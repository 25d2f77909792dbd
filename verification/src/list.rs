//! Lists of views of one kind, reconciled place by place.

use crate::surface::{
    all_fresh, children, lemma_children_kept, lemma_without_absent, lemma_without_once, placed,
    Handle, MutationModel, Surface,
};
use crate::util::reversed;
use crate::value::{Text, TextProduct};
use crate::view::{lemma_unnamed_spares, Html, IntoHtml, Mountable};
use vstd::prelude::*;

verus! {

/// A list of views, shown in the order of the list.
pub struct List<T> {
    pub items: Vec<T>,
}

/// A built list: the node under which the items are mounted, and their products in order.
pub struct ListProduct<P> {
    anchor: Handle,
    items: Vec<P>,
}

impl<P> ListProduct<P> {
    /// The products of the items, in the order of the list.
    pub closed spec fn products(&self) -> Seq<P> {
        self.items@
    }

    /// The node under which the items are mounted.
    pub closed spec fn anchor(&self) -> Handle {
        self.anchor
    }

    /// The products of the items, in the order of the list.
    pub fn items(&self) -> (items: &Vec<P>)
        ensures
            items@ == self.products(),
    {
        &self.items
    }
}

/// Whether every one of `products`, from number `from` on, is in one piece after the
/// mutations of `log`.
pub open spec fn sound_from<P: Mountable>(products: Seq<P>, from: int, log: Seq<MutationModel>) -> bool {
    forall|i: int| from <= i < products.len() && 0 <= i ==> (#[trigger] products[i]).sound(log)
}

/// Whether every one of `products` is in one piece after the mutations of `log`.
pub open spec fn all_sound<P: Mountable>(products: Seq<P>, log: Seq<MutationModel>) -> bool {
    sound_from(products, 0, log)
}

/// Whether every one of `products` owns its own node.
pub open spec fn rooted<P: Mountable>(products: Seq<P>) -> bool {
    forall|i: int| 0 <= i < products.len() ==> (#[trigger] products[i]).owns(products[i].handle())
}

/// Whether `products` share no node, neither with each other nor with `anchor`.
pub open spec fn separated<P: Mountable>(products: Seq<P>, anchor: Handle) -> bool {
    &&& forall|i: int| 0 <= i < products.len() ==> !(#[trigger] products[i]).owns(anchor)
    &&& forall|i: int, j: int, handle: Handle|
        #![trigger products[i].owns(handle), products[j].owns(handle)]
        0 <= i < j < products.len() ==> !(products[i].owns(handle) && products[j].owns(handle))
}

/// Whether a node that one of `now` owns was owned by the product at the same place of
/// `was`, or was created by mutation number `at` or a later one.
pub open spec fn grown<P: Mountable>(now: Seq<P>, was: Seq<P>, at: nat) -> bool {
    forall|i: int, handle: Handle|
        0 <= i < now.len() && #[trigger] now[i].owns(handle) ==> (i < was.len() && was[i].owns(
            handle,
        )) || handle.id >= at
}

/// Whether one of `products` owns the node `handle`.
pub open spec fn owned_by<P: Mountable>(products: Seq<P>, handle: Handle) -> bool {
    exists|i: int| 0 <= i < products.len() && (#[trigger] products[i]).owns(handle)
}

/// Products in one piece own their own nodes.
pub proof fn lemma_all_rooted<P: Mountable>(products: Seq<P>, log: Seq<MutationModel>)
    requires
        all_sound(products, log),
    ensures
        rooted(products),
{
    assert forall|i: int| 0 <= i < products.len() implies (#[trigger] products[i]).owns(
        products[i].handle(),
    ) by {
        products[i].lemma_sound(log);
    }
}

/// Mutations that are about one of the products and about new nodes, and about nothing
/// else, leave the products that come after it in one piece.
pub proof fn lemma_rest_spared<P: Mountable>(
    products: Seq<P>,
    anchor: Handle,
    place: int,
    log: Seq<MutationModel>,
    more: Seq<MutationModel>,
)
    requires
        0 <= place < products.len(),
        sound_from(products, place + 1, log),
        separated(products, anchor),
        forall|k: int, handle: Handle|
            0 <= k < more.len() && (#[trigger] more[k].names(handle)) ==> products[place].owns(
                handle,
            ) || handle.id >= log.len(),
    ensures
        sound_from(products, place + 1, log + more),
{
    assert forall|i: int| place + 1 <= i < products.len() implies (#[trigger] products[i]).sound(
        log + more,
    ) by {
        products[i].lemma_sound(log);
        assert forall|k: int, handle: Handle|
            0 <= k < more.len() && products[i].owns(handle) implies !(#[trigger] more[k].names(
            handle,
        )) by {
            if more[k].names(handle) {
                assert(!(products[place].owns(handle) && products[i].owns(handle)));
            }
        }
        lemma_unnamed_spares(more, &products[i]);
        products[i].lemma_spared(log, more);
    }
}

/// Unmounting one of the products leaves the products that come after it in one piece.
pub proof fn lemma_rest_unmounted<P: Mountable>(
    products: Seq<P>,
    anchor: Handle,
    place: int,
    log: Seq<MutationModel>,
)
    requires
        0 <= place < products.len(),
        products[place].owns(products[place].handle()),
        sound_from(products, place + 1, log),
        separated(products, anchor),
    ensures
        sound_from(
            products,
            place + 1,
            log + seq![MutationModel::Unmount { handle: products[place].handle() }],
        ),
{
    let more = seq![MutationModel::Unmount { handle: products[place].handle() }];
    assert forall|i: int| place + 1 <= i < products.len() implies (#[trigger] products[i]).sound(
        log + more,
    ) by {
        assert forall|k: int, handle: Handle|
            0 <= k < more.len() && products[i].owns(handle) implies !(#[trigger] more[k].names(
            handle,
        )) by {
            if more[k].names(handle) {
                assert(!(products[place].owns(handle) && products[i].owns(handle)));
            }
        }
        lemma_unnamed_spares(more, &products[i]);
        products[i].lemma_spared(log, more);
    }
}

/// Products in one piece, which share no node, stay so where one of them is updated: the
/// mutations are about that one and about new nodes, and it owns afterwards what it owned
/// and new nodes only.
pub proof fn lemma_place_updated<P: Mountable>(
    before: Seq<P>,
    after: Seq<P>,
    anchor: Handle,
    place: int,
    log: Seq<MutationModel>,
    more: Seq<MutationModel>,
)
    requires
        all_sound(before, log),
        separated(before, anchor),
        anchor.id < log.len(),
        0 <= place < before.len(),
        after.len() == before.len(),
        forall|i: int| 0 <= i < before.len() && i != place ==> after[i] == before[i],
        after[place].sound(log + more),
        forall|handle: Handle| #[trigger]
            after[place].owns(handle) ==> before[place].owns(handle) || handle.id >= log.len(),
        forall|k: int, handle: Handle|
            0 <= k < more.len() && (#[trigger] more[k].names(handle)) ==> before[place].owns(
                handle,
            ) || handle.id >= log.len(),
    ensures
        all_sound(after, log + more),
        separated(after, anchor),
{
    assert forall|i: int| 0 <= i < after.len() implies (#[trigger] after[i]).sound(log + more) by {
        if i != place {
            before[i].lemma_sound(log);
            assert forall|k: int, handle: Handle|
                0 <= k < more.len() && before[i].owns(handle) implies !(#[trigger] more[k].names(
                handle,
            )) by {
                if more[k].names(handle) {
                    if i < place {
                        assert(!(before[i].owns(handle) && before[place].owns(handle)));
                    } else {
                        assert(!(before[place].owns(handle) && before[i].owns(handle)));
                    }
                }
            }
            lemma_unnamed_spares(more, &before[i]);
            before[i].lemma_spared(log, more);
        }
    }
    assert forall|i: int| 0 <= i < after.len() implies !(#[trigger] after[i]).owns(anchor) by {
        assert(!before[i].owns(anchor));
    }
    assert forall|i: int, j: int, handle: Handle|
        #![trigger after[i].owns(handle), after[j].owns(handle)]
        0 <= i < j < after.len() implies !(after[i].owns(handle) && after[j].owns(handle)) by {
        if after[i].owns(handle) && after[j].owns(handle) {
            before[i].lemma_sound(log);
            before[j].lemma_sound(log);
            assert(!(before[i].owns(handle) && before[j].owns(handle)));
        }
    }
}

/// Products in one piece, which share no node, stay so where a product is built behind
/// them and mounted under the anchor.
pub proof fn lemma_place_added<P: Mountable>(
    before: Seq<P>,
    added: P,
    anchor: Handle,
    log: Seq<MutationModel>,
    build: Seq<MutationModel>,
)
    requires
        all_sound(before, log),
        separated(before, anchor),
        anchor.id < log.len(),
        added.sound(log + build),
        forall|handle: Handle| #[trigger] added.owns(handle) ==> handle.id >= log.len(),
        all_fresh(build, log.len()),
    ensures
        all_sound(
            before.push(added),
            log + build + seq![MutationModel::Mount { parent: anchor, child: added.handle() }],
        ),
        separated(before.push(added), anchor),
{
    let after = before.push(added);
    let mount = seq![MutationModel::Mount { parent: anchor, child: added.handle() }];
    added.lemma_sound(log + build);
    assert forall|i: int| 0 <= i < after.len() implies !(#[trigger] after[i]).owns(anchor) by {
        if i < before.len() {
            assert(!before[i].owns(anchor));
        }
    }
    assert forall|i: int, j: int, handle: Handle|
        #![trigger after[i].owns(handle), after[j].owns(handle)]
        0 <= i < j < after.len() implies !(after[i].owns(handle) && after[j].owns(handle)) by {
        if after[i].owns(handle) && after[j].owns(handle) {
            before[i].lemma_sound(log);
            if j < before.len() {
                assert(!(before[i].owns(handle) && before[j].owns(handle)));
            }
        }
    }
    assert forall|i: int| 0 <= i < after.len() implies (#[trigger] after[i]).sound(
        log + build + mount,
    ) by {
        if i < before.len() {
            before[i].lemma_sound(log);
            assert forall|k: int, handle: Handle|
                0 <= k < build.len() && before[i].owns(handle) implies !(#[trigger] build[k].names(
                handle,
            )) by {}
            lemma_unnamed_spares(build, &before[i]);
            before[i].lemma_spared(log, build);
            assert forall|k: int, handle: Handle|
                0 <= k < mount.len() && before[i].owns(handle) implies !(#[trigger] mount[k].names(
                handle,
            )) by {
                assert(!before[i].owns(anchor));
            }
            lemma_unnamed_spares(mount, &before[i]);
            before[i].lemma_spared(log + build, mount);
        } else {
            added.lemma_spared(log + build, mount);
        }
    }
}

/// The first of products in one piece, which share no node, are in one piece and share no
/// node.
pub proof fn lemma_places_dropped<P: Mountable>(
    products: Seq<P>,
    anchor: Handle,
    kept: int,
    log: Seq<MutationModel>,
)
    requires
        sound_from(products.take(kept), 0, log),
        separated(products, anchor),
        0 <= kept <= products.len(),
    ensures
        separated(products.take(kept), anchor),
{
    let first = products.take(kept);
    assert forall|i: int| 0 <= i < first.len() implies !(#[trigger] first[i]).owns(anchor) by {
        assert(!products[i].owns(anchor));
    }
    assert forall|i: int, j: int, handle: Handle|
        #![trigger first[i].owns(handle), first[j].owns(handle)]
        0 <= i < j < first.len() implies !(first[i].owns(handle) && first[j].owns(handle)) by {
        assert(!(products[i].owns(handle) && products[j].owns(handle)));
    }
}

/// Unmounting one of products in one piece, which share no node, leaves the others in one
/// piece.
pub proof fn lemma_place_unmounted<P: Mountable>(
    products: Seq<P>,
    anchor: Handle,
    place: int,
    kept: int,
    log: Seq<MutationModel>,
)
    requires
        0 <= kept <= place < products.len(),
        sound_from(products.take(kept), 0, log),
        products[place].owns(products[place].handle()),
        separated(products, anchor),
    ensures
        sound_from(
            products.take(kept),
            0,
            log + seq![MutationModel::Unmount { handle: products[place].handle() }],
        ),
{
    let more = seq![MutationModel::Unmount { handle: products[place].handle() }];
    let first = products.take(kept);
    assert forall|i: int| 0 <= i < first.len() implies (#[trigger] first[i]).sound(log + more) by {
        assert(first[i] == products[i]);
        assert forall|k: int, handle: Handle|
            0 <= k < more.len() && first[i].owns(handle) implies !(#[trigger] more[k].names(
            handle,
        )) by {
            if more[k].names(handle) {
                assert(!(products[i].owns(handle) && products[place].owns(handle)));
            }
        }
        lemma_unnamed_spares(more, &first[i]);
        first[i].lemma_spared(log, more);
    }
}

impl<P: Mountable> Mountable for ListProduct<P> {
    open spec fn handle(&self) -> Handle {
        self.anchor()
    }

    open spec fn owns(&self, handle: Handle) -> bool {
        handle == self.anchor() || owned_by(self.products(), handle)
    }

    open spec fn sound(&self, log: Seq<MutationModel>) -> bool {
        &&& all_sound(self.products(), log)
        &&& separated(self.products(), self.anchor())
        &&& placed(handles(self.products()), self.anchor(), log)
    }

    proof fn lemma_sound(&self, log: Seq<MutationModel>) {
        assert forall|handle: Handle| #[trigger] self.owns(handle) implies handle.id
            < log.len() by {
            if handle != self.anchor() {
                let i = choose|i: int|
                    0 <= i < self.products().len() && (#[trigger] self.products()[i]).owns(handle);
                self.products()[i].lemma_sound(log);
            }
        }
    }

    proof fn lemma_spared(&self, log: Seq<MutationModel>, more: Seq<MutationModel>) {
        let products = self.products();
        let anchor = self.anchor();
        let kids = handles(products);
        lemma_all_rooted(products, log);
        assert forall|i: int| 0 <= i < products.len() implies (#[trigger] products[i]).sound(
            log + more,
        ) by {
            assert forall|k: int, handle: Handle|
                #![trigger more[k], products[i].owns(handle)]
                0 <= k < more.len() && products[i].owns(handle) implies more[k].spares(
                handle,
                handle == products[i].handle(),
            ) by {
                assert(self.owns(handle));
                assert(more[k].spares(handle, handle == self.handle()));
            }
            products[i].lemma_spared(log, more);
        }
        assert forall|k: int| 0 <= k < more.len() implies (#[trigger] more[k]).keeps(
            anchor,
            children(log, anchor),
        ) by {
            assert(self.owns(anchor));
            assert(more[k].spares(anchor, anchor == self.handle()));
            assert forall|i: int| 0 <= i < kids.len() implies !more[k].moves(#[trigger] kids[i]) by {
                assert(products[i].owns(kids[i]));
                assert(self.owns(kids[i]));
                assert(more[k].spares(kids[i], kids[i] == self.handle()));
            }
        }
        lemma_children_kept(log, more, anchor);
    }

    fn js(&self) -> (handle: Handle) {
        self.anchor
    }
}

/// The mutations that bring a list from `products` to `items`, from place `from` on, on a
/// surface that has seen `at` mutations: a place that both have is updated, an item without
/// a product is built and mounted under `anchor`, a product without an item is unmounted.
pub open spec fn reconcile_log<T: Html>(
    items: Seq<T>,
    products: Seq<T::Product>,
    anchor: Handle,
    from: int,
    at: nat,
) -> Seq<MutationModel>
    decreases items.len() + products.len() - from,
{
    if from < 0 {
        Seq::empty()
    } else if from < items.len() && from < products.len() {
        let update = items[from].update_log(&products[from], at);
        update + reconcile_log(items, products, anchor, from + 1, at + update.len())
    } else if from < items.len() {
        let build = items[from].build_log(at);
        build + seq![MutationModel::Mount { parent: anchor, child: Handle::at(at) }]
            + reconcile_log(items, products, anchor, from + 1, at + build.len() + 1)
    } else if from < products.len() {
        seq![MutationModel::Unmount { handle: products[from].handle() }] + reconcile_log(
            items,
            products,
            anchor,
            from + 1,
            at + 1,
        )
    } else {
        Seq::empty()
    }
}

/// Whether the products show the items, place by place.
pub open spec fn all_shown<T: Html>(items: Seq<T>, products: Seq<T::Product>) -> bool {
    &&& items.len() == products.len()
    &&& forall|i: int| 0 <= i < items.len() ==> (#[trigger] items[i]).shown_by(&products[i])
}

/// Building and mounting items under a new anchor is about new nodes only.
pub proof fn lemma_mounting_fresh<T: Html>(
    items: Seq<T>,
    anchor: Handle,
    from: int,
    at: nat,
    base: nat,
)
    requires
        0 <= from,
        base <= at,
        anchor.id >= base,
        at + reconcile_log(items, Seq::<T::Product>::empty(), anchor, from, at).len() <= usize::MAX,
    ensures
        all_fresh(reconcile_log(items, Seq::<T::Product>::empty(), anchor, from, at), base),
    decreases items.len() - from,
{
    let none = Seq::<T::Product>::empty();
    if from < items.len() {
        let build = items[from].build_log(at);
        let mount = seq![MutationModel::Mount { parent: anchor, child: Handle::at(at) }];
        let rest = reconcile_log(items, none, anchor, from + 1, at + build.len() + 1);
        items[from].lemma_build_fresh(at);
        lemma_mounting_fresh(items, anchor, from + 1, at + build.len() + 1, base);
        let whole = build + mount + rest;
        assert forall|i: int, handle: Handle|
            0 <= i < whole.len() && handle.id < base implies !(#[trigger] whole[i].names(handle)) by {
            if i < build.len() {
                assert(whole[i] == build[i]);
            } else if i == build.len() {
                assert(whole[i] == mount[0]);
            } else {
                assert(whole[i] == rest[i - build.len() - 1]);
            }
        }
    }
}

/// Building and mounting items under an anchor that was there before moves the anchor
/// nowhere.
pub proof fn lemma_mounting_rootless<T: Html>(items: Seq<T>, anchor: Handle, from: int, at: nat)
    requires
        0 <= from,
        anchor.id < at,
        at + reconcile_log(items, Seq::<T::Product>::empty(), anchor, from, at).len() <= usize::MAX,
    ensures
        forall|i: int|
            0 <= i < reconcile_log(items, Seq::<T::Product>::empty(), anchor, from, at).len()
                ==> !(#[trigger] reconcile_log(
                items,
                Seq::<T::Product>::empty(),
                anchor,
                from,
                at,
            )[i]).moves(anchor),
    decreases items.len() - from,
{
    let none = Seq::<T::Product>::empty();
    if from < items.len() {
        let build = items[from].build_log(at);
        let mount = seq![MutationModel::Mount { parent: anchor, child: Handle::at(at) }];
        let rest = reconcile_log(items, none, anchor, from + 1, at + build.len() + 1);
        items[from].lemma_build_fresh(at);
        lemma_mounting_rootless(items, anchor, from + 1, at + build.len() + 1);
        let whole = build + mount + rest;
        assert forall|i: int| 0 <= i < whole.len() implies !(#[trigger] whole[i]).moves(anchor) by {
            if i < build.len() {
                assert(whole[i] == build[i]);
                assert(!build[i].names(anchor));
            } else if i == build.len() {
                assert(whole[i] == mount[0]);
            } else {
                assert(whole[i] == rest[i - build.len() - 1]);
            }
        }
    }
}

/// The live nodes of `products`, in their order.
pub open spec fn handles<P: Mountable>(products: Seq<P>) -> Seq<Handle> {
    Seq::new(products.len(), |i: int| products[i].handle())
}

/// The live nodes of the products from number `from` on, in their order.
pub open spec fn pending_handles<P: Mountable>(products: Seq<P>, from: int) -> Seq<Handle> {
    if 0 <= from <= products.len() {
        handles(products).skip(from)
    } else {
        Seq::empty()
    }
}

/// The live nodes of the places from `from` on after a reconciliation on a surface that has
/// seen `at` mutations: a place that had a product keeps its node, and a new place has the
/// node that its build creates first.
pub open spec fn reconciled_handles<T: Html>(
    items: Seq<T>,
    products: Seq<T::Product>,
    from: int,
    at: nat,
) -> Seq<Handle>
    decreases items.len() - from,
{
    if from < 0 || from >= items.len() {
        Seq::empty()
    } else if from < products.len() {
        seq![products[from].handle()] + reconciled_handles(
            items,
            products,
            from + 1,
            at + items[from].update_log(&products[from], at).len(),
        )
    } else {
        seq![Handle::at(at)] + reconciled_handles(
            items,
            products,
            from + 1,
            at + items[from].build_log(at).len() + 1,
        )
    }
}

/// Reconciliation is about the anchor, about the nodes that the products own and about those
/// that it creates, and about no others; and it moves the anchor nowhere.
pub proof fn lemma_reconcile_local<T: Html>(
    log: Seq<MutationModel>,
    items: Seq<T>,
    products: Seq<T::Product>,
    anchor: Handle,
    from: int,
    base: nat,
)
    requires
        0 <= from,
        anchor.id < base <= log.len(),
        sound_from(products, from, log),
        rooted(products),
        separated(products, anchor),
        log.len() + reconcile_log(items, products, anchor, from, log.len()).len() <= usize::MAX,
    ensures
        forall|k: int, handle: Handle|
            0 <= k < reconcile_log(items, products, anchor, from, log.len()).len() && (
            #[trigger] reconcile_log(items, products, anchor, from, log.len())[k].names(handle))
                ==> handle == anchor || owned_by(products, handle) || handle.id >= base,
        forall|k: int|
            0 <= k < reconcile_log(items, products, anchor, from, log.len()).len() ==> !(
            #[trigger] reconcile_log(items, products, anchor, from, log.len())[k]).moves(anchor),
    decreases items.len() + products.len() - from,
{
    let at = log.len();
    let whole = reconcile_log(items, products, anchor, from, at);
    if from < items.len() && from < products.len() {
        let update = items[from].update_log(&products[from], at);
        let rest = reconcile_log(items, products, anchor, from + 1, at + update.len());
        items[from].lemma_update_local(&products[from], log);
        lemma_rest_spared(products, anchor, from, log, update);
        assert((log + update).len() == at + update.len());
        lemma_reconcile_local(log + update, items, products, anchor, from + 1, base);
        assert forall|k: int, handle: Handle|
            0 <= k < whole.len() && (#[trigger] whole[k].names(handle)) implies handle == anchor
            || owned_by(products, handle) || handle.id >= base by {
            if k < update.len() {
                assert(whole[k] == update[k]);
                assert(update[k].names(handle));
            } else {
                assert(whole[k] == rest[k - update.len()]);
                assert(rest[k - update.len()].names(handle));
            }
        }
        assert forall|k: int| 0 <= k < whole.len() implies !(#[trigger] whole[k]).moves(anchor) by {
            if k < update.len() {
                assert(whole[k] == update[k]);
                if update[k].moves(anchor) {
                    assert(update[k].names(anchor));
                    assert(!products[from].owns(anchor));
                }
            } else {
                assert(whole[k] == rest[k - update.len()]);
            }
        }
    } else if from < items.len() {
        let build = items[from].build_log(at);
        let mount = seq![MutationModel::Mount { parent: anchor, child: Handle::at(at) }];
        let rest = reconcile_log(items, products, anchor, from + 1, at + build.len() + 1);
        items[from].lemma_build_fresh(at);
        assert((log + build + mount).len() == at + build.len() + 1);
        lemma_reconcile_local(log + build + mount, items, products, anchor, from + 1, base);
        assert forall|k: int, handle: Handle|
            0 <= k < whole.len() && (#[trigger] whole[k].names(handle)) implies handle == anchor
            || owned_by(products, handle) || handle.id >= base by {
            if k < build.len() {
                assert(whole[k] == build[k]);
                if handle.id < at {
                    assert(!build[k].names(handle));
                }
            } else if k == build.len() {
                assert(whole[k] == mount[0]);
            } else {
                assert(whole[k] == rest[k - build.len() - 1]);
                assert(rest[k - build.len() - 1].names(handle));
            }
        }
        assert forall|k: int| 0 <= k < whole.len() implies !(#[trigger] whole[k]).moves(anchor) by {
            if k < build.len() {
                assert(whole[k] == build[k]);
                assert(!build[k].names(anchor));
            } else if k == build.len() {
                assert(whole[k] == mount[0]);
            } else {
                assert(whole[k] == rest[k - build.len() - 1]);
            }
        }
    } else if from < products.len() {
        let unmount = seq![MutationModel::Unmount { handle: products[from].handle() }];
        let rest = reconcile_log(items, products, anchor, from + 1, at + 1);
        lemma_rest_unmounted(products, anchor, from, log);
        assert((log + unmount).len() == at + 1);
        lemma_reconcile_local(log + unmount, items, products, anchor, from + 1, base);
        assert forall|k: int, handle: Handle|
            0 <= k < whole.len() && (#[trigger] whole[k].names(handle)) implies handle == anchor
            || owned_by(products, handle) || handle.id >= base by {
            if k == 0 {
                assert(whole[k] == unmount[0]);
                assert(products[from].owns(handle));
            } else {
                assert(whole[k] == rest[k - 1]);
                assert(rest[k - 1].names(handle));
            }
        }
        assert forall|k: int| 0 <= k < whole.len() implies !(#[trigger] whole[k]).moves(anchor) by {
            if k == 0 {
                assert(whole[k] == unmount[0]);
                assert(!products[from].owns(anchor));
            } else {
                assert(whole[k] == rest[k - 1]);
            }
        }
    }
}

/// Reconciliation keeps the order: where the products that are still to come are in one
/// piece, the products share no node, and the children of the anchor are the nodes of the
/// places that are done and of the products that are still to come, the children of the
/// anchor are afterwards the nodes of the places that are done and of the reconciled
/// places, in the order of the items.
pub proof fn lemma_reconcile_order<T: Html>(
    log: Seq<MutationModel>,
    items: Seq<T>,
    products: Seq<T::Product>,
    anchor: Handle,
    from: int,
    done: Seq<Handle>,
)
    requires
        0 <= from,
        placed(done + pending_handles(products, from), anchor, log),
        sound_from(products, from, log),
        rooted(products),
        separated(products, anchor),
        from < products.len() && from < items.len() ==> done == handles(products).take(from),
        log.len() + reconcile_log(items, products, anchor, from, log.len()).len() <= usize::MAX,
    ensures
        placed(
            done + reconciled_handles(items, products, from, log.len()),
            anchor,
            log + reconcile_log(items, products, anchor, from, log.len()),
        ),
    decreases items.len() + products.len() - from,
{
    let at = log.len();
    let pending = pending_handles(products, from);
    let kids = done + pending;
    let whole = reconcile_log(items, products, anchor, from, at);
    if from < items.len() && from < products.len() {
        let update = items[from].update_log(&products[from], at);
        let rest = reconcile_log(items, products, anchor, from + 1, at + update.len());
        let node = products[from].handle();
        assert(kids =~= handles(products));
        items[from].lemma_update_local(&products[from], log);
        assert forall|k: int| 0 <= k < update.len() implies (#[trigger] update[k]).keeps(
            anchor,
            children(log, anchor),
        ) by {
            if update[k].mounts_under(anchor) || update[k].creates(anchor) {
                assert(update[k].names(anchor));
                assert(!products[from].owns(anchor));
            }
            assert forall|i: int| 0 <= i < kids.len() implies !update[k].moves(
                #[trigger] kids[i],
            ) by {
                if i != from && update[k].moves(kids[i]) {
                    assert(update[k].names(kids[i]));
                    assert(products[i].owns(kids[i]));
                    if i < from {
                        assert(!(products[i].owns(kids[i]) && products[from].owns(kids[i])));
                    } else {
                        assert(!(products[from].owns(kids[i]) && products[i].owns(kids[i])));
                    }
                }
            }
        }
        lemma_children_kept(log, update, anchor);
        assert(done.push(node) + pending_handles(products, from + 1) =~= kids);
        assert(done.push(node) =~= handles(products).take(from + 1));
        lemma_rest_spared(products, anchor, from, log, update);
        lemma_reconcile_order(log + update, items, products, anchor, from + 1, done.push(node));
        assert(log + update + rest =~= log + whole);
        assert(done.push(node) + reconciled_handles(items, products, from + 1, at + update.len())
            =~= done + reconciled_handles(items, products, from, at));
    } else if from < items.len() {
        let build = items[from].build_log(at);
        let node = Handle::at(at);
        let mount = MutationModel::Mount { parent: anchor, child: node };
        let rest = reconcile_log(items, products, anchor, from + 1, at + build.len() + 1);
        assert(pending =~= Seq::empty());
        assert(kids =~= done);
        items[from].lemma_build_fresh(at);
        assert forall|k: int| 0 <= k < build.len() implies (#[trigger] build[k]).keeps(
            anchor,
            children(log, anchor),
        ) by {
            assert(!build[k].names(anchor));
            assert forall|i: int| 0 <= i < done.len() implies !build[k].moves(
                #[trigger] done[i],
            ) by {
                assert(!build[k].names(done[i]));
            }
        }
        lemma_children_kept(log, build, anchor);
        let built = log + build;
        let mounted = built.push(mount);
        assert(mounted.drop_last() =~= built);
        assert(!done.contains(node));
        lemma_without_absent(done, node);
        assert(children(mounted, anchor) == done.push(node));
        assert(done.push(node) + pending_handles(products, from + 1) =~= done.push(node));
        assert(mounted + rest =~= log + whole);
        lemma_reconcile_order(mounted, items, products, anchor, from + 1, done.push(node));
        assert(done.push(node) + reconciled_handles(
            items,
            products,
            from + 1,
            at + build.len() + 1,
        ) =~= done + reconciled_handles(items, products, from, at));
    } else if from < products.len() {
        let node = products[from].handle();
        let gone = log.push(MutationModel::Unmount { handle: node });
        let left = pending_handles(products, from + 1);
        let rest = reconcile_log(items, products, anchor, from + 1, at + 1);
        assert(pending =~= seq![node] + left);
        assert(kids =~= done + seq![node] + left);
        assert(kids[done.len() as int] == node);
        assert forall|i: int| 0 <= i < done.len() implies done[i] != node by {
            assert(kids[i] == done[i]);
        }
        assert forall|i: int| 0 <= i < left.len() implies left[i] != node by {
            assert(kids[done.len() + 1 + i] == left[i]);
        }
        lemma_without_once(done, node, left);
        assert(gone.drop_last() =~= log);
        assert(children(gone, anchor) == done + left);
        assert forall|i: int, j: int|
            0 <= i < (done + left).len() && 0 <= j < (done + left).len() && i != j implies (done
            + left)[i] != (done + left)[j] by {
            let a = if i < done.len() {
                i
            } else {
                i + 1
            };
            let b = if j < done.len() {
                j
            } else {
                j + 1
            };
            assert((done + left)[i] == kids[a]);
            assert((done + left)[j] == kids[b]);
        }
        assert forall|i: int| 0 <= i < (done + left).len() implies (#[trigger] (done + left)[i]).id
            < gone.len() by {
            let a = if i < done.len() {
                i
            } else {
                i + 1
            };
            assert((done + left)[i] == kids[a]);
        }
        assert(gone + rest =~= log + whole);
        lemma_rest_unmounted(products, anchor, from, log);
        assert(gone =~= log + seq![MutationModel::Unmount { handle: node }]);
        lemma_reconcile_order(gone, items, products, anchor, from + 1, done);
    } else {
        assert(pending =~= Seq::empty());
        assert(kids =~= done);
        assert(log + whole =~= log);
        assert(done + reconciled_handles(items, products, from, at) =~= done);
    }
}

/// A list keeps its order: where the products are in one piece and share no node, and the
/// children of the anchor are the nodes of the products, the children of the anchor are,
/// after an update to any items, the nodes of the places in the order of the items.
pub proof fn lemma_list_order<T: Html>(
    log: Seq<MutationModel>,
    items: Seq<T>,
    products: Seq<T::Product>,
    anchor: Handle,
)
    requires
        placed(handles(products), anchor, log),
        all_sound(products, log),
        separated(products, anchor),
        log.len() + reconcile_log(items, products, anchor, 0, log.len()).len() <= usize::MAX,
    ensures
        placed(
            reconciled_handles(items, products, 0, log.len()),
            anchor,
            log + reconcile_log(items, products, anchor, 0, log.len()),
        ),
{
    assert(Seq::<Handle>::empty() + pending_handles(products, 0) =~= handles(products));
    assert(handles(products).take(0) =~= Seq::<Handle>::empty());
    lemma_all_rooted(products, log);
    lemma_reconcile_order(log, items, products, anchor, 0, Seq::empty());
    assert(Seq::<Handle>::empty() + reconciled_handles(items, products, 0, log.len())
        =~= reconciled_handles(items, products, 0, log.len()));
}

/// Places whose update makes no mutation can be left out of the reconciliation.
pub proof fn lemma_unchanged_prefix<T: Html>(
    items: Seq<T>,
    products: Seq<T::Product>,
    anchor: Handle,
    from: int,
    upto: int,
    at: nat,
)
    requires
        0 <= from <= upto,
        upto <= items.len(),
        upto <= products.len(),
        forall|i: int|
            from <= i < upto ==> (#[trigger] items[i]).update_log(&products[i], at) == Seq::<
                MutationModel,
            >::empty(),
    ensures
        reconcile_log(items, products, anchor, from, at) == reconcile_log(
            items,
            products,
            anchor,
            upto,
            at,
        ),
    decreases upto - from,
{
    if from < upto {
        lemma_unchanged_prefix(items, products, anchor, from + 1, upto, at);
        assert(items[from].update_log(&products[from], at) == Seq::<MutationModel>::empty());
        assert(Seq::<MutationModel>::empty() + reconcile_log(items, products, anchor, from + 1, at)
            =~= reconcile_log(items, products, anchor, from + 1, at));
    }
}

/// The unmounting of the products from number `from` on, in their order.
pub open spec fn unmount_log<P: Mountable>(products: Seq<P>, from: int) -> Seq<MutationModel> {
    Seq::new(
        (products.len() - from) as nat,
        |j: int| MutationModel::Unmount { handle: products[from + j].handle() },
    )
}

/// Where the items have run out, what is left of the reconciliation unmounts the products
/// that are left, in their order, and does nothing else.
pub proof fn lemma_surplus_unmounted<T: Html>(
    items: Seq<T>,
    products: Seq<T::Product>,
    anchor: Handle,
    from: int,
    at: nat,
)
    requires
        items.len() <= from <= products.len(),
    ensures
        reconcile_log(items, products, anchor, from, at) == unmount_log(products, from),
    decreases products.len() - from,
{
    if from < products.len() {
        lemma_surplus_unmounted(items, products, anchor, from + 1, at + 1);
        assert(seq![MutationModel::Unmount { handle: products[from].handle() }] + unmount_log(
            products,
            from + 1,
        ) =~= unmount_log(products, from));
    } else {
        assert(unmount_log(products, from) =~= Seq::empty());
    }
}

/// A list that gets shorter, and whose remaining places have nothing to update, unmounts
/// exactly the products of the places that are gone, in their order.
pub proof fn lemma_shrink<T: Html>(
    items: Seq<T>,
    products: Seq<T::Product>,
    anchor: Handle,
    at: nat,
)
    requires
        items.len() <= products.len(),
        forall|i: int|
            0 <= i < items.len() ==> (#[trigger] items[i]).update_log(&products[i], at) == Seq::<
                MutationModel,
            >::empty(),
    ensures
        reconcile_log(items, products, anchor, 0, at) == unmount_log(
            products,
            items.len() as int,
        ),
{
    lemma_unchanged_prefix(items, products, anchor, 0, items.len() as int, at);
    lemma_surplus_unmounted(items, products, anchor, items.len() as int, at);
}

/// A list that gets one item more at its end, and whose other places have nothing to update,
/// builds that one item and mounts it under the anchor, behind the others.
pub proof fn lemma_grow<T: Html>(
    items: Seq<T>,
    products: Seq<T::Product>,
    anchor: Handle,
    at: nat,
)
    requires
        items.len() == products.len() + 1,
        forall|i: int|
            0 <= i < products.len() ==> (#[trigger] items[i]).update_log(&products[i], at) == Seq::<
                MutationModel,
            >::empty(),
    ensures
        reconcile_log(items, products, anchor, 0, at) == items.last().build_log(at) + seq![
            MutationModel::Mount { parent: anchor, child: Handle::at(at) },
        ],
{
    let last = products.len() as int;
    lemma_unchanged_prefix(items, products, anchor, 0, last, at);
    let build = items[last].build_log(at);
    assert(reconcile_log(items, products, anchor, last + 1, at + build.len() + 1) =~= Seq::empty());
    assert(build + seq![MutationModel::Mount { parent: anchor, child: Handle::at(at) }] + Seq::<
        MutationModel,
    >::empty() =~= build + seq![MutationModel::Mount { parent: anchor, child: Handle::at(at) }]);
}

/// A list of text that loses places at its end, and keeps the content of the others,
/// unmounts exactly the products of the places that are gone, in their order.
pub proof fn lemma_text_shrink(
    shown: Seq<Text>,
    items: Seq<Text>,
    products: Seq<TextProduct>,
    anchor: Handle,
    at: nat,
)
    requires
        all_shown(shown, products),
        items.len() <= shown.len(),
        forall|i: int| 0 <= i < items.len() ==> (#[trigger] items[i]).content@ == shown[i].content@,
    ensures
        reconcile_log(items, products, anchor, 0, at) == unmount_log(products, items.len() as int),
{
    assert forall|i: int| 0 <= i < items.len() implies (#[trigger] items[i]).update_log(
        &products[i],
        at,
    ) == Seq::<MutationModel>::empty() by {
        assert(shown[i].shown_by(&products[i]));
    }
    lemma_shrink(items, products, anchor, at);
}

/// A list of text that gets one place more at its end, and keeps the content of the others,
/// creates the node of the new text and mounts it under the anchor, behind the others.
pub proof fn lemma_text_grow(
    shown: Seq<Text>,
    items: Seq<Text>,
    products: Seq<TextProduct>,
    anchor: Handle,
    at: nat,
)
    requires
        all_shown(shown, products),
        items.len() == shown.len() + 1,
        forall|i: int| 0 <= i < shown.len() ==> (#[trigger] items[i]).content@ == shown[i].content@,
    ensures
        reconcile_log(items, products, anchor, 0, at) == seq![
            MutationModel::CreateText { handle: Handle::at(at), content: items.last().content@ },
            MutationModel::Mount { parent: anchor, child: Handle::at(at) },
        ],
{
    assert forall|i: int| 0 <= i < products.len() implies (#[trigger] items[i]).update_log(
        &products[i],
        at,
    ) == Seq::<MutationModel>::empty() by {
        assert(shown[i].shown_by(&products[i]));
    }
    lemma_grow(items, products, anchor, at);
    assert(items.last().build_log(at) + seq![
        MutationModel::Mount { parent: anchor, child: Handle::at(at) },
    ] =~= seq![
        MutationModel::CreateText { handle: Handle::at(at), content: items.last().content@ },
        MutationModel::Mount { parent: anchor, child: Handle::at(at) },
    ]);
}

impl<T: Html> Html for List<T> {
    type Product = ListProduct<T::Product>;

    open spec fn shown_by(&self, product: &ListProduct<T::Product>) -> bool {
        all_shown(self.items@, product.products())
    }

    open spec fn build_log(&self, at: nat) -> Seq<MutationModel> {
        seq![MutationModel::CreateAnchor { handle: Handle::at(at) }] + reconcile_log(
            self.items@,
            Seq::<T::Product>::empty(),
            Handle::at(at),
            0,
            at + 1,
        )
    }

    open spec fn update_log(&self, product: &ListProduct<T::Product>, at: nat) -> Seq<
        MutationModel,
    > {
        reconcile_log(self.items@, product.products(), product.anchor(), 0, at)
    }

    proof fn lemma_build_fresh(&self, at: nat) {
        let anchor = Handle::at(at);
        let rest = reconcile_log(self.items@, Seq::<T::Product>::empty(), anchor, 0, at + 1);
        lemma_mounting_fresh(self.items@, anchor, 0, at + 1, at);
        lemma_mounting_rootless(self.items@, anchor, 0, at + 1);
        let whole = self.build_log(at);
        assert forall|i: int, handle: Handle|
            0 <= i < whole.len() && handle.id < at implies !(#[trigger] whole[i].names(handle)) by {
            if i >= 1 {
                assert(whole[i] == rest[i - 1]);
            }
        }
        assert forall|i: int| 0 <= i < whole.len() implies !(#[trigger] whole[i]).moves(anchor) by {
            if i >= 1 {
                assert(whole[i] == rest[i - 1]);
            }
        }
    }

    proof fn lemma_update_local(&self, product: &ListProduct<T::Product>, log: Seq<MutationModel>) {
        lemma_all_rooted(product.products(), log);
        lemma_reconcile_local(
            log,
            self.items@,
            product.products(),
            product.anchor(),
            0,
            log.len(),
        );
    }

    fn build(self, surface: &mut Surface) -> (product: ListProduct<T::Product>)
        ensures
            product.products().len() == self.items@.len(),
            handles(product.products()) == reconciled_handles(
                self.items@,
                Seq::<T::Product>::empty(),
                0,
                old(surface)@.len() + 1,
            ),
    {
        let ghost items = self.items@;
        let ghost none = Seq::<T::Product>::empty();
        proof {
            surface.lemma_countable();
        }
        let anchor = surface.create_anchor();
        let ghost created = surface@;
        let ghost whole = surface@ + reconcile_log(items, none, anchor, 0, surface@.len());
        let ghost nodes = reconciled_handles(items, none, 0, surface@.len());
        assert(whole =~= old(surface)@ + self.build_log(old(surface)@.len()));
        assert(handles(Seq::<T::Product>::empty()) + nodes =~= nodes);
        let mut pending = reversed(self.items);
        let mut products: Vec<T::Product> = Vec::new();
        while pending.len() > 0
            invariant
                none.len() == 0,
                anchor.id < created.len() <= surface@.len(),
                all_sound(products@, surface@),
                separated(products@, anchor),
                grown(products@, none, created.len()),
                handles(products@) + reconciled_handles(
                    items,
                    none,
                    products@.len() as int,
                    surface@.len(),
                ) == nodes,
                products@.len() + pending@.len() == items.len(),
                pending@ == items.reverse().take(pending@.len() as int),
                surface@ + reconcile_log(items, none, anchor, products@.len() as int, surface@.len())
                    == whole,
                forall|i: int|
                    0 <= i < products@.len() ==> (#[trigger] items[i]).shown_by(&products@[i]),
            decreases pending@.len(),
        {
            let ghost place = products@.len() as int;
            let ghost before = surface@;
            let next = pending.pop();
            match next {
                Some(item) => {
                    assert(item == items[place]);
                    assert(pending@ =~= items.reverse().take(pending@.len() as int));
                    let ghost made = item.build_log(before.len());
                    let built = item.build(surface);
                    proof {
                        surface.lemma_countable();
                        items[place].lemma_build_fresh(before.len());
                    }
                    built.mount(anchor, surface);
                    let ghost had = products@;
                    products.push(built);
                    proof {
                        assert(surface@ =~= before + made + seq![
                            MutationModel::Mount { parent: anchor, child: built.handle() },
                        ]);
                        lemma_place_added(had, built, anchor, before, made);
                    }
                    assert(surface@ + reconcile_log(
                        items,
                        none,
                        anchor,
                        place + 1,
                        surface@.len(),
                    ) =~= before + reconcile_log(items, none, anchor, place, before.len()));
                    assert(handles(products@) + reconciled_handles(
                        items,
                        none,
                        place + 1,
                        surface@.len(),
                    ) =~= handles(had) + reconciled_handles(items, none, place, before.len()));
                },
                None => {},
            }
        }
        assert(surface@ =~= whole);
        assert(handles(products@) =~= nodes);
        proof {
            surface.lemma_countable();
            assert(created.drop_last() =~= old(surface)@);
            assert(children(created, anchor) =~= Seq::<Handle>::empty());
            assert(Seq::<Handle>::empty() + pending_handles(none, 0) =~= Seq::<Handle>::empty());
            lemma_reconcile_order(created, items, none, anchor, 0, Seq::empty());
            assert(Seq::<Handle>::empty() + nodes =~= nodes);
        }
        let product = ListProduct { anchor, items: products };
        assert forall|handle: Handle| #[trigger] product.owns(handle) implies handle.id >= old(
            surface,
        )@.len() by {
            if handle != anchor {
                let i = choose|i: int|
                    0 <= i < products@.len() && (#[trigger] products@[i]).owns(handle);
                assert(products@[i].owns(handle));
            }
        }
        product
    }

    fn update(self, product: &mut ListProduct<T::Product>, surface: &mut Surface)
        ensures
            final(product).anchor() == old(product).anchor(),
            final(product).products().len() == self.items@.len(),
            handles(final(product).products()) == reconciled_handles(
                self.items@,
                old(product).products(),
                0,
                old(surface)@.len(),
            ),
            forall|i: int|
                0 <= i < self.items@.len() && i < old(product).products().len() ==> (
                #[trigger] final(product).products()[i]).handle() == old(
                    product,
                ).products()[i].handle(),
    {
        let ghost items = self.items@;
        let ghost was = product.items@;
        let anchor = product.anchor;
        let ghost start = surface@.len();
        let ghost whole_before = product.sound(surface@);
        let ghost whole = surface@ + reconcile_log(items, was, anchor, 0, surface@.len());
        let ghost nodes = reconciled_handles(items, was, 0, surface@.len());
        assert(handles(product.items@).take(0) + nodes =~= nodes);
        let kept = product.items.len();
        let mut pending = reversed(self.items);
        let mut place: usize = 0;
        while place < kept && pending.len() > 0
            invariant
                kept == was.len(),
                place <= kept,
                place + pending@.len() == items.len(),
                pending@ == items.reverse().take(pending@.len() as int),
                product.anchor == anchor,
                product.items@.len() == was.len(),
                start <= surface@.len(),
                whole_before ==> anchor.id < start && all_sound(product.items@, surface@)
                    && separated(product.items@, anchor),
                grown(product.items@, was, start),
                forall|i: int| place <= i < was.len() ==> product.items@[i] == was[i],
                forall|i: int|
                    0 <= i < place ==> (#[trigger] product.items@[i]).handle() == was[i].handle(),
                forall|i: int| 0 <= i < place ==> (#[trigger] items[i]).shown_by(&product.items@[i]),
                surface@ + reconcile_log(items, was, anchor, place as int, surface@.len()) == whole,
                handles(product.items@).take(place as int) + reconciled_handles(
                    items,
                    was,
                    place as int,
                    surface@.len(),
                ) == nodes,
            decreases pending@.len(),
        {
            let ghost before = surface@;
            let next = pending.pop();
            match next {
                Some(item) => {
                    assert(item == items[place as int]);
                    assert(pending@ =~= items.reverse().take(pending@.len() as int));
                    let ghost had = product.items@;
                    let ghost made = item.update_log(&had[place as int], before.len());
                    item.update(&mut product.items[place], surface);
                    proof {
                        surface.lemma_countable();
                        if whole_before {
                            items[place as int].lemma_update_local(&had[place as int], before);
                            lemma_place_updated(
                                had,
                                product.items@,
                                anchor,
                                place as int,
                                before,
                                made,
                            );
                        }
                        assert forall|i: int, handle: Handle|
                            0 <= i < product.items@.len() && #[trigger] product.items@[i].owns(
                                handle,
                            ) implies (i < was.len() && was[i].owns(handle)) || handle.id
                            >= start by {
                            if i != place {
                                assert(had[i].owns(handle));
                            }
                        }
                    }
                    assert(surface@ + reconcile_log(
                        items,
                        was,
                        anchor,
                        place + 1,
                        surface@.len(),
                    ) =~= before + reconcile_log(items, was, anchor, place as int, before.len()));
                    assert(handles(product.items@).take(place + 1) + reconciled_handles(
                        items,
                        was,
                        place + 1,
                        surface@.len(),
                    ) =~= handles(had).take(place as int) + reconciled_handles(
                        items,
                        was,
                        place as int,
                        before.len(),
                    ));
                    place += 1;
                },
                None => {},
            }
        }
        if pending.len() > 0 {
            assert(handles(product.items@).take(place as int) =~= handles(product.items@));
            while pending.len() > 0
                invariant
                    handles(product.items@) + reconciled_handles(
                        items,
                        was,
                        product.items@.len() as int,
                        surface@.len(),
                    ) == nodes,
                    kept == was.len(),
                    kept <= product.items@.len(),
                    product.items@.len() + pending@.len() == items.len(),
                    pending@ == items.reverse().take(pending@.len() as int),
                    product.anchor == anchor,
                    start <= surface@.len(),
                    whole_before ==> anchor.id < start && all_sound(product.items@, surface@)
                        && separated(product.items@, anchor),
                    grown(product.items@, was, start),
                    forall|i: int|
                        0 <= i < kept ==> (#[trigger] product.items@[i]).handle()
                            == was[i].handle(),
                    forall|i: int|
                        0 <= i < product.items@.len() ==> (#[trigger] items[i]).shown_by(
                            &product.items@[i],
                        ),
                    surface@ + reconcile_log(
                        items,
                        was,
                        anchor,
                        product.items@.len() as int,
                        surface@.len(),
                    ) == whole,
                decreases pending@.len(),
            {
                let ghost at = product.items@.len() as int;
                let ghost before = surface@;
                let next = pending.pop();
                match next {
                    Some(item) => {
                        assert(item == items[at]);
                        assert(pending@ =~= items.reverse().take(pending@.len() as int));
                        let ghost made = item.build_log(before.len());
                        let built = item.build(surface);
                        proof {
                            surface.lemma_countable();
                            items[at].lemma_build_fresh(before.len());
                        }
                        built.mount(anchor, surface);
                        let ghost had = product.items@;
                        product.items.push(built);
                        proof {
                            if whole_before {
                                assert(surface@ =~= before + made + seq![
                                    MutationModel::Mount { parent: anchor, child: built.handle() },
                                ]);
                                lemma_place_added(had, built, anchor, before, made);
                            }
                            assert forall|i: int, handle: Handle|
                                0 <= i < product.items@.len() && #[trigger] product.items@[i].owns(
                                    handle,
                                ) implies (i < was.len() && was[i].owns(handle)) || handle.id
                                >= start by {
                                if i < had.len() {
                                    assert(had[i].owns(handle));
                                }
                            }
                        }
                        assert(surface@ + reconcile_log(items, was, anchor, at + 1, surface@.len())
                            =~= before + reconcile_log(items, was, anchor, at, before.len()));
                        assert(handles(product.items@) + reconciled_handles(
                            items,
                            was,
                            at + 1,
                            surface@.len(),
                        ) =~= handles(had) + reconciled_handles(items, was, at, before.len()));
                    },
                    None => {},
                }
            }
        } else {
            let mut gone: usize = place;
            let ghost had = product.items@;
            assert(handles(product.items@).take(place as int) + Seq::<Handle>::empty()
                =~= handles(product.items@).take(place as int));
            proof {
                if whole_before {
                    lemma_all_rooted(had, surface@);
                    assert forall|i: int| 0 <= i < had.take(place as int).len() implies (
                    #[trigger] had.take(place as int)[i]).sound(surface@) by {
                        assert(had[i].sound(surface@));
                    }
                }
            }
            while gone < kept
                invariant
                    handles(product.items@).take(place as int) == nodes,
                    kept == was.len(),
                    place == items.len(),
                    place <= gone <= kept,
                    product.anchor == anchor,
                    product.items@ == had,
                    had.len() == was.len(),
                    start <= surface@.len(),
                    whole_before ==> anchor.id < start && rooted(had) && separated(had, anchor)
                        && all_sound(had.take(place as int), surface@),
                    grown(product.items@, was, start),
                    forall|i: int| place <= i < was.len() ==> product.items@[i] == was[i],
                    forall|i: int|
                        0 <= i < place ==> (#[trigger] product.items@[i]).handle()
                            == was[i].handle(),
                    forall|i: int|
                        0 <= i < place ==> (#[trigger] items[i]).shown_by(&product.items@[i]),
                    surface@ + reconcile_log(items, was, anchor, gone as int, surface@.len())
                        == whole,
                decreases kept - gone,
            {
                let ghost before = surface@;
                product.items[gone].unmount(surface);
                proof {
                    if whole_before {
                        assert(surface@ =~= before + seq![
                            MutationModel::Unmount { handle: had[gone as int].handle() },
                        ]);
                        lemma_place_unmounted(had, anchor, gone as int, place as int, before);
                    }
                }
                assert(surface@ + reconcile_log(items, was, anchor, gone + 1, surface@.len())
                    =~= before + reconcile_log(items, was, anchor, gone as int, before.len()));
                gone += 1;
            }
            product.items.truncate(place);
            assert(handles(product.items@) =~= handles(had).take(place as int));
            proof {
                assert(product.items@ =~= had.take(place as int));
                if whole_before {
                    lemma_places_dropped(had, anchor, place as int, surface@);
                }
                assert forall|i: int, handle: Handle|
                    0 <= i < product.items@.len() && #[trigger] product.items@[i].owns(
                        handle,
                    ) implies (i < was.len() && was[i].owns(handle)) || handle.id >= start by {
                    assert(had[i].owns(handle));
                }
            }
        }
        assert(surface@ =~= whole);
        proof {
            surface.lemma_countable();
            if whole_before {
                lemma_list_order(old(surface)@, items, was, anchor);
            }
            assert forall|handle: Handle| #[trigger] product.owns(handle) implies old(
                product,
            ).owns(handle) || handle.id >= start by {
                if handle != anchor {
                    let i = choose|i: int|
                        0 <= i < product.items@.len() && (#[trigger] product.items@[i]).owns(
                            handle,
                        );
                    assert(product.items@[i].owns(handle));
                    assert(grown(product.items@, was, start));
                    if handle.id < start {
                        assert(i < was.len() && was[i].owns(handle));
                        assert(old(product).products()[i].owns(handle));
                    }
                }
            }
        }
    }
}

impl<T: Html> IntoHtml for Option<T> {
    type Html = List<T>;

    /// A value that may be missing becomes the list of what is there.
    open spec fn becomes(&self, html: &List<T>) -> bool {
        html.items@ == match *self {
            Some(item) => seq![item],
            None => Seq::empty(),
        }
    }

    fn into_html(self) -> (html: List<T>) {
        let mut items: Vec<T> = Vec::new();
        match self {
            Some(item) => items.push(item),
            None => {},
        }
        List { items }
    }
}

impl<T: Html> IntoHtml for Vec<T> {
    type Html = List<T>;

    /// A vector becomes the list of its items.
    open spec fn becomes(&self, html: &List<T>) -> bool {
        html.items == *self
    }

    fn into_html(self) -> (html: List<T>) {
        List { items: self }
    }
}

} // verus!
