//! A view that is one of two shapes, and changes shape by tearing down and building anew.

use crate::surface::{
    all_fresh, children, lemma_children_kept, lemma_mounted_frame, lemma_without_absent,
    lemma_without_once, mounted, placed, Handle, MutationModel, Surface,
};
use crate::view::{Html, Mountable};
use vstd::prelude::*;

verus! {

/// One of two shapes.
pub enum Branch2<A, B> {
    A(A),
    B(B),
}

/// A built branch: the node under which the active shape is mounted, and its product.
pub struct BranchProduct<A, B> {
    anchor: Handle,
    active: Branch2<A, B>,
}

impl<A, B> BranchProduct<A, B> {
    /// The node under which the active shape is mounted.
    pub closed spec fn anchor(&self) -> Handle {
        self.anchor
    }

    /// The product of the shape that is shown.
    pub closed spec fn active(&self) -> Branch2<A, B> {
        self.active
    }

    /// The product of the shape that is shown.
    pub fn shape(&self) -> (active: &Branch2<A, B>)
        ensures
            *active == self.active(),
    {
        &self.active
    }
}

impl<A: Mountable, B: Mountable> Branch2<A, B> {
    /// The live node of the product, whichever shape it has.
    pub open spec fn inner(&self) -> Handle {
        match self {
            Branch2::A(product) => product.handle(),
            Branch2::B(product) => product.handle(),
        }
    }

    /// Whether the product, whichever shape it has, owns the node `handle`.
    pub open spec fn inner_owns(&self, handle: Handle) -> bool {
        match self {
            Branch2::A(product) => product.owns(handle),
            Branch2::B(product) => product.owns(handle),
        }
    }

    /// Whether the product, whichever shape it has, is in one piece.
    pub open spec fn inner_sound(&self, log: Seq<MutationModel>) -> bool {
        match self {
            Branch2::A(product) => product.sound(log),
            Branch2::B(product) => product.sound(log),
        }
    }
}

impl<A: Mountable, B: Mountable> Mountable for BranchProduct<A, B> {
    open spec fn handle(&self) -> Handle {
        self.anchor()
    }

    open spec fn owns(&self, handle: Handle) -> bool {
        handle == self.anchor() || self.active().inner_owns(handle)
    }

    open spec fn sound(&self, log: Seq<MutationModel>) -> bool {
        &&& self.active().inner_sound(log)
        &&& !self.active().inner_owns(self.anchor())
        &&& placed(seq![self.active().inner()], self.anchor(), log)
    }

    proof fn lemma_sound(&self, log: Seq<MutationModel>) {
        match self.active() {
            Branch2::A(product) => product.lemma_sound(log),
            Branch2::B(product) => product.lemma_sound(log),
        }
    }

    proof fn lemma_spared(&self, log: Seq<MutationModel>, more: Seq<MutationModel>) {
        let anchor = self.anchor();
        let node = self.active().inner();
        self.lemma_sound(log);
        match self.active() {
            Branch2::A(product) => {
                product.lemma_sound(log);
                assert forall|k: int, handle: Handle|
                    #![trigger more[k], product.owns(handle)]
                    0 <= k < more.len() && product.owns(handle) implies more[k].spares(
                    handle,
                    handle == product.handle(),
                ) by {
                    assert(self.owns(handle));
                    assert(more[k].spares(handle, handle == self.handle()));
                }
                product.lemma_spared(log, more);
            },
            Branch2::B(product) => {
                product.lemma_sound(log);
                assert forall|k: int, handle: Handle|
                    #![trigger more[k], product.owns(handle)]
                    0 <= k < more.len() && product.owns(handle) implies more[k].spares(
                    handle,
                    handle == product.handle(),
                ) by {
                    assert(self.owns(handle));
                    assert(more[k].spares(handle, handle == self.handle()));
                }
                product.lemma_spared(log, more);
            },
        }
        assert forall|k: int| 0 <= k < more.len() implies (#[trigger] more[k]).keeps(
            anchor,
            children(log, anchor),
        ) by {
            assert(self.owns(anchor));
            assert(self.owns(node));
            assert(more[k].spares(anchor, anchor == self.handle()));
            assert(more[k].spares(node, node == self.handle()));
            assert(seq![node][0] == node);
        }
        lemma_children_kept(log, more, anchor);
    }

    fn js(&self) -> (handle: Handle) {
        self.anchor
    }
}

/// A change of shape is about the node that goes, the anchor and new nodes, and about no
/// others; and it moves the anchor nowhere.
pub proof fn lemma_switch_local(
    gone: Handle,
    build: Seq<MutationModel>,
    anchor: Handle,
    at: nat,
)
    requires
        gone != anchor,
        anchor.id < at,
        at + 2 + build.len() <= usize::MAX,
        all_fresh(build, at + 1),
    ensures
        forall|k: int, handle: Handle|
            0 <= k < switch_log(gone, build, anchor, at).len() && (#[trigger] switch_log(
                gone,
                build,
                anchor,
                at,
            )[k].names(handle)) ==> handle == gone || handle == anchor || handle.id >= at,
        forall|k: int|
            0 <= k < switch_log(gone, build, anchor, at).len() ==> !(#[trigger] switch_log(
                gone,
                build,
                anchor,
                at,
            )[k]).moves(anchor),
{
    let whole = switch_log(gone, build, anchor, at);
    assert forall|k: int, handle: Handle|
        0 <= k < whole.len() && (#[trigger] whole[k].names(handle)) implies handle == gone
        || handle == anchor || handle.id >= at by {
        if 1 <= k <= build.len() {
            assert(whole[k] == build[k - 1]);
            if handle.id < at {
                assert(!build[k - 1].names(handle));
            }
        }
    }
    assert forall|k: int| 0 <= k < whole.len() implies !(#[trigger] whole[k]).moves(anchor) by {
        if 1 <= k <= build.len() {
            assert(whole[k] == build[k - 1]);
            assert(!build[k - 1].names(anchor));
        }
    }
}

/// Building a shape and mounting it under an anchor that has no children leaves the node
/// of the shape as the anchor's one child.
pub proof fn lemma_mount_places(
    log: Seq<MutationModel>,
    build: Seq<MutationModel>,
    anchor: Handle,
)
    requires
        anchor.id < log.len(),
        children(log, anchor) == Seq::<Handle>::empty(),
        log.len() + build.len() < usize::MAX,
        all_fresh(build, log.len()),
        forall|i: int| 0 <= i < build.len() ==> !(#[trigger] build[i]).moves(Handle::at(log.len())),
    ensures
        placed(
            seq![Handle::at(log.len())],
            anchor,
            log + build + seq![MutationModel::Mount { parent: anchor, child: Handle::at(log.len()) }],
        ),
{
    let node = Handle::at(log.len());
    let mount = MutationModel::Mount { parent: anchor, child: node };
    assert forall|k: int| 0 <= k < build.len() implies (#[trigger] build[k]).keeps(
        anchor,
        children(log, anchor),
    ) by {
        assert(!build[k].names(anchor));
    }
    lemma_children_kept(log, build, anchor);
    let after = log + build + seq![mount];
    assert(after.drop_last() =~= log + build);
    assert(after.last() == mount);
    lemma_without_absent(Seq::<Handle>::empty(), node);
    assert(Seq::<Handle>::empty().push(node) =~= seq![node]);
}

/// The mutations of a change of shape on a surface that has seen `at` mutations: the node
/// `gone` of the old shape is unmounted first, then the new shape is built by `build`, and
/// last its node is mounted under `anchor`.
pub open spec fn switch_log(gone: Handle, build: Seq<MutationModel>, anchor: Handle, at: nat) -> Seq<
    MutationModel,
> {
    seq![MutationModel::Unmount { handle: gone }] + build + seq![
        MutationModel::Mount { parent: anchor, child: Handle::at(at + 1) },
    ]
}

impl<A: Html, B: Html> Html for Branch2<A, B> {
    type Product = BranchProduct<A::Product, B::Product>;

    open spec fn shown_by(&self, product: &BranchProduct<A::Product, B::Product>) -> bool {
        match (*self, product.active()) {
            (Branch2::A(view), Branch2::A(built)) => view.shown_by(&built),
            (Branch2::B(view), Branch2::B(built)) => view.shown_by(&built),
            _ => false,
        }
    }

    open spec fn build_log(&self, at: nat) -> Seq<MutationModel> {
        seq![MutationModel::CreateAnchor { handle: Handle::at(at) }] + match self {
            Branch2::A(view) => view.build_log(at + 1),
            Branch2::B(view) => view.build_log(at + 1),
        } + seq![MutationModel::Mount { parent: Handle::at(at), child: Handle::at(at + 1) }]
    }

    open spec fn update_log(&self, product: &BranchProduct<A::Product, B::Product>, at: nat) -> Seq<
        MutationModel,
    > {
        match (*self, product.active()) {
            (Branch2::A(view), Branch2::A(built)) => view.update_log(&built, at),
            (Branch2::B(view), Branch2::B(built)) => view.update_log(&built, at),
            (Branch2::A(view), Branch2::B(built)) => switch_log(
                built.handle(),
                view.build_log(at + 1),
                product.anchor(),
                at,
            ),
            (Branch2::B(view), Branch2::A(built)) => switch_log(
                built.handle(),
                view.build_log(at + 1),
                product.anchor(),
                at,
            ),
        }
    }

    proof fn lemma_build_fresh(&self, at: nat) {
        let inner = match self {
            Branch2::A(view) => view.build_log(at + 1),
            Branch2::B(view) => view.build_log(at + 1),
        };
        match self {
            Branch2::A(view) => view.lemma_build_fresh(at + 1),
            Branch2::B(view) => view.lemma_build_fresh(at + 1),
        }
        let whole = self.build_log(at);
        assert forall|i: int, handle: Handle|
            0 <= i < whole.len() && handle.id < at implies !(#[trigger] whole[i].names(handle)) by {
            if 1 <= i <= inner.len() {
                assert(whole[i] == inner[i - 1]);
            }
        }
        assert forall|i: int| 0 <= i < whole.len() implies !(#[trigger] whole[i]).moves(
            Handle::at(at),
        ) by {
            if 1 <= i <= inner.len() {
                assert(whole[i] == inner[i - 1]);
                assert(!inner[i - 1].names(Handle::at(at)));
            }
        }
    }

    proof fn lemma_update_local(
        &self,
        product: &BranchProduct<A::Product, B::Product>,
        log: Seq<MutationModel>,
    ) {
        let at = log.len();
        let made = self.update_log(product, at);
        let anchor = product.anchor();
        product.lemma_sound(log);
        match (*self, product.active()) {
            (Branch2::A(view), Branch2::A(built)) => {
                view.lemma_update_local(&built, log);
                assert forall|k: int| 0 <= k < made.len() implies !(#[trigger] made[k]).moves(
                    anchor,
                ) by {
                    if made[k].moves(anchor) {
                        assert(made[k].names(anchor));
                    }
                }
            },
            (Branch2::B(view), Branch2::B(built)) => {
                view.lemma_update_local(&built, log);
                assert forall|k: int| 0 <= k < made.len() implies !(#[trigger] made[k]).moves(
                    anchor,
                ) by {
                    if made[k].moves(anchor) {
                        assert(made[k].names(anchor));
                    }
                }
            },
            (Branch2::A(view), Branch2::B(built)) => {
                view.lemma_build_fresh(at + 1);
                built.lemma_sound(log);
                lemma_switch_local(built.handle(), view.build_log(at + 1), anchor, at);
            },
            (Branch2::B(view), Branch2::A(built)) => {
                view.lemma_build_fresh(at + 1);
                built.lemma_sound(log);
                lemma_switch_local(built.handle(), view.build_log(at + 1), anchor, at);
            },
        }
    }

    fn build(self, surface: &mut Surface) -> (product: BranchProduct<A::Product, B::Product>)
        ensures
            product.active().inner() == Handle::at(old(surface)@.len() + 1),
    {
        let ghost this = self;
        proof {
            surface.lemma_countable();
        }
        let anchor = surface.create_anchor();
        let ghost created = surface@;
        let ghost inner = match this {
            Branch2::A(view) => view.build_log(created.len()),
            Branch2::B(view) => view.build_log(created.len()),
        };
        let ghost mount = seq![
            MutationModel::Mount { parent: anchor, child: Handle::at(created.len()) },
        ];
        let active = match self {
            Branch2::A(view) => {
                let built = view.build(surface);
                built.mount(anchor, surface);
                proof {
                    assert(surface@ =~= created + inner + mount);
                    built.lemma_spared(created + inner, mount);
                }
                Branch2::A(built)
            },
            Branch2::B(view) => {
                let built = view.build(surface);
                built.mount(anchor, surface);
                proof {
                    assert(surface@ =~= created + inner + mount);
                    built.lemma_spared(created + inner, mount);
                }
                Branch2::B(built)
            },
        };
        assert(surface@ =~= old(surface)@ + this.build_log(old(surface)@.len()));
        proof {
            surface.lemma_countable();
            match this {
                Branch2::A(view) => view.lemma_build_fresh(created.len()),
                Branch2::B(view) => view.lemma_build_fresh(created.len()),
            }
            assert(created.drop_last() =~= old(surface)@);
            assert(children(created, anchor) =~= Seq::<Handle>::empty());
            lemma_mount_places(created, inner, anchor);
        }
        BranchProduct { anchor, active }
    }

    fn update(self, product: &mut BranchProduct<A::Product, B::Product>, surface: &mut Surface)
        ensures
            final(product).anchor() == old(product).anchor(),
    {
        let ghost this = self;
        let anchor = product.anchor;
        let ghost start = surface@;
        let ghost before = product.active.inner();
        let ghost whole_before = product.sound(start);
        match self {
            Branch2::A(view) => {
                let was = match &product.active {
                    Branch2::A(_) => None,
                    Branch2::B(built) => Some(built.js()),
                };
                match was {
                    None => {
                        match &mut product.active {
                            Branch2::A(built) => {
                                let ghost shape = view;
                                let ghost made = view.update_log(built, start.len());
                                view.update(built, surface);
                                proof {
                                    surface.lemma_countable();
                                    if whole_before {
                                        shape.lemma_update_local(&old(product).active->A_0, start);
                                        assert forall|k: int| 0 <= k < made.len() implies (
                                        #[trigger] made[k]).keeps(anchor, children(start, anchor)) by {
                                            if made[k].mounts_under(anchor) || made[k].creates(
                                                anchor,
                                            ) {
                                                assert(made[k].names(anchor));
                                            }
                                        }
                                        lemma_children_kept(start, made, anchor);
                                    }
                                }
                            },
                            Branch2::B(_) => {},
                        }
                    },
                    Some(gone) => {
                        let ghost shape = view;
                        surface.unmount(gone);
                        let ghost torn = surface@;
                        let built = view.build(surface);
                        let ghost made = shape.build_log(torn.len());
                        built.mount(anchor, surface);
                        let ghost mount = seq![
                            MutationModel::Mount { parent: anchor, child: built.handle() },
                        ];
                        proof {
                            surface.lemma_countable();
                            assert(surface@ =~= torn + made + mount);
                            if whole_before {
                                built.lemma_spared(torn + made, mount);
                                shape.lemma_build_fresh(start.len() + 1);
                                lemma_switch_places(start, before, made, anchor);
                            }
                        }
                        product.active = Branch2::A(built);
                        assert(surface@ =~= start + this.update_log(old(product), start.len()));
                    },
                }
            },
            Branch2::B(view) => {
                let was = match &product.active {
                    Branch2::B(_) => None,
                    Branch2::A(built) => Some(built.js()),
                };
                match was {
                    None => {
                        match &mut product.active {
                            Branch2::B(built) => {
                                let ghost shape = view;
                                let ghost made = view.update_log(built, start.len());
                                view.update(built, surface);
                                proof {
                                    surface.lemma_countable();
                                    if whole_before {
                                        shape.lemma_update_local(&old(product).active->B_0, start);
                                        assert forall|k: int| 0 <= k < made.len() implies (
                                        #[trigger] made[k]).keeps(anchor, children(start, anchor)) by {
                                            if made[k].mounts_under(anchor) || made[k].creates(
                                                anchor,
                                            ) {
                                                assert(made[k].names(anchor));
                                            }
                                        }
                                        lemma_children_kept(start, made, anchor);
                                    }
                                }
                            },
                            Branch2::A(_) => {},
                        }
                    },
                    Some(gone) => {
                        let ghost shape = view;
                        surface.unmount(gone);
                        let ghost torn = surface@;
                        let built = view.build(surface);
                        let ghost made = shape.build_log(torn.len());
                        built.mount(anchor, surface);
                        let ghost mount = seq![
                            MutationModel::Mount { parent: anchor, child: built.handle() },
                        ];
                        proof {
                            surface.lemma_countable();
                            assert(surface@ =~= torn + made + mount);
                            if whole_before {
                                built.lemma_spared(torn + made, mount);
                                shape.lemma_build_fresh(start.len() + 1);
                                lemma_switch_places(start, before, made, anchor);
                            }
                        }
                        product.active = Branch2::B(built);
                        assert(surface@ =~= start + this.update_log(old(product), start.len()));
                    },
                }
            },
        }
    }
}

/// A change of shape leaves nothing of the old shape attached: its node is unmounted before
/// the first mutation of the new shape's build, nothing after that is about it, and at the
/// end the node of the new shape is attached.
pub proof fn lemma_switch_tears_down(
    log: Seq<MutationModel>,
    gone: Handle,
    build: Seq<MutationModel>,
    anchor: Handle,
)
    requires
        gone.id < log.len(),
        anchor != gone,
        log.len() + 1 + build.len() <= usize::MAX,
        all_fresh(build, log.len() + 1),
    ensures
        switch_log(gone, build, anchor, log.len())[0] == (MutationModel::Unmount { handle: gone }),
        forall|i: int|
            1 <= i < switch_log(gone, build, anchor, log.len()).len() ==> !(#[trigger] switch_log(
                gone,
                build,
                anchor,
                log.len(),
            )[i]).names(gone),
        !mounted(log + switch_log(gone, build, anchor, log.len()), gone),
        mounted(log + switch_log(gone, build, anchor, log.len()), Handle::at(log.len() + 1)),
{
    let at = log.len();
    let whole = switch_log(gone, build, anchor, at);
    let mount = seq![MutationModel::Mount { parent: anchor, child: Handle::at(at + 1) }];
    assert forall|i: int| 1 <= i < whole.len() implies !(#[trigger] whole[i]).names(gone) by {
        if i <= build.len() {
            assert(whole[i] == build[i - 1]);
        }
    }
    let tail = build + mount;
    let torn = log + seq![MutationModel::Unmount { handle: gone }];
    assert(log + whole =~= torn + tail);
    assert forall|i: int| 0 <= i < tail.len() implies !(#[trigger] tail[i]).names(gone) by {
        assert(tail[i] == whole[i + 1]);
    }
    lemma_mounted_frame(torn, tail, gone);
    assert((log + whole).last() == mount[0]);
}

/// After a change of shape the node of the new shape is the one child of the anchor, where
/// the node of the old shape was that before.
pub proof fn lemma_switch_places(
    log: Seq<MutationModel>,
    gone: Handle,
    build: Seq<MutationModel>,
    anchor: Handle,
)
    requires
        placed(seq![gone], anchor, log),
        log.len() + 1 + build.len() < usize::MAX,
        all_fresh(build, log.len() + 1),
        forall|i: int|
            0 <= i < build.len() ==> !(#[trigger] build[i]).moves(Handle::at(log.len() + 1)),
    ensures
        placed(
            seq![Handle::at(log.len() + 1)],
            anchor,
            log + switch_log(gone, build, anchor, log.len()),
        ),
{
    let torn = log.push(MutationModel::Unmount { handle: gone });
    assert(torn.drop_last() =~= log);
    assert(seq![gone][0] == gone);
    lemma_without_once(Seq::empty(), gone, Seq::empty());
    assert(Seq::<Handle>::empty() + seq![gone] + Seq::<Handle>::empty() =~= seq![gone]);
    assert(Seq::<Handle>::empty() + Seq::<Handle>::empty() =~= Seq::<Handle>::empty());
    assert(children(torn, anchor) == Seq::<Handle>::empty());
    lemma_mount_places(torn, build, anchor);
    assert(log + switch_log(gone, build, anchor, log.len()) =~= torn + build + seq![
        MutationModel::Mount { parent: anchor, child: Handle::at(torn.len()) },
    ]);
}

/// Where a branch changes from its second shape to its first, the update tears the old
/// product down before it builds the new one, and nothing of the old one stays attached:
/// the node of the new shape is the one child of the anchor.
pub proof fn lemma_switch_to_first<A: Html, B: Html>(
    view: A,
    product: BranchProduct<A::Product, B::Product>,
    log: Seq<MutationModel>,
)
    requires
        product.active() is B,
        product.sound(log),
        log.len() + 1 + view.build_log(log.len() + 1).len() < usize::MAX,
    ensures
        Branch2::<A, B>::A(view).update_log(&product, log.len()) == switch_log(
            product.active().inner(),
            view.build_log(log.len() + 1),
            product.anchor(),
            log.len(),
        ),
        !mounted(
            log + Branch2::<A, B>::A(view).update_log(&product, log.len()),
            product.active().inner(),
        ),
        placed(
            seq![Handle::at(log.len() + 1)],
            product.anchor(),
            log + Branch2::<A, B>::A(view).update_log(&product, log.len()),
        ),
{
    product.lemma_sound(log);
    match product.active() {
        Branch2::A(built) => built.lemma_sound(log),
        Branch2::B(built) => built.lemma_sound(log),
    }
    view.lemma_build_fresh(log.len() + 1);
    lemma_switch_tears_down(
        log,
        product.active().inner(),
        view.build_log(log.len() + 1),
        product.anchor(),
    );
    lemma_switch_places(
        log,
        product.active().inner(),
        view.build_log(log.len() + 1),
        product.anchor(),
    );
}

/// Where a branch changes from its first shape to its second, the update tears the old
/// product down before it builds the new one, and nothing of the old one stays attached:
/// the node of the new shape is the one child of the anchor.
pub proof fn lemma_switch_to_second<A: Html, B: Html>(
    view: B,
    product: BranchProduct<A::Product, B::Product>,
    log: Seq<MutationModel>,
)
    requires
        product.active() is A,
        product.sound(log),
        log.len() + 1 + view.build_log(log.len() + 1).len() < usize::MAX,
    ensures
        Branch2::<A, B>::B(view).update_log(&product, log.len()) == switch_log(
            product.active().inner(),
            view.build_log(log.len() + 1),
            product.anchor(),
            log.len(),
        ),
        !mounted(
            log + Branch2::<A, B>::B(view).update_log(&product, log.len()),
            product.active().inner(),
        ),
        placed(
            seq![Handle::at(log.len() + 1)],
            product.anchor(),
            log + Branch2::<A, B>::B(view).update_log(&product, log.len()),
        ),
{
    product.lemma_sound(log);
    match product.active() {
        Branch2::A(built) => built.lemma_sound(log),
        Branch2::B(built) => built.lemma_sound(log),
    }
    view.lemma_build_fresh(log.len() + 1);
    lemma_switch_tears_down(
        log,
        product.active().inner(),
        view.build_log(log.len() + 1),
        product.anchor(),
    );
    lemma_switch_places(
        log,
        product.active().inner(),
        view.build_log(log.len() + 1),
        product.anchor(),
    );
}

} // verus!
